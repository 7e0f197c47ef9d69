use bevy_ecs::component::MAX_AGE;
use bevy_ecs::entity::Entity;
use bevy_ecs::query::shape::{Fetch, Filter, QueryError};
use bevy_ecs::system::commands::{Command, CommandQueue};
use bevy_ecs::system::exclusive_system::{ExclusiveSystem, IntoExclusiveSystem};
use bevy_ecs::query::write::ComponentWrite;
use bevy_ecs::system::into_system::{
    In, IntoSystem, SystemConfig, SystemEffects, SystemParams, SystemState,
};
use bevy_ecs::system::system::{System, SystemId};
use bevy_ecs::world::World;

const TYPE_F: u64 = 0xf;
const TYPE_COUNTER: u64 = 0xc0;
const TYPE_A: u64 = 0xa;
const TYPE_B: u64 = 0xb;

/// Counts the entities that hold the first component, adds the count
/// to the counter component, and asks for the component to be removed.
fn removal(params: &SystemParams) -> ((), SystemEffects) {
    let mut effects = SystemEffects::none();
    let counter = &params.queries[1][0];
    let mut count = counter.values[0].unwrap();
    for item in params.queries[0].iter() {
        count += 1;
        effects.commands.push(Command::Remove { entity: item.entity, component_id: 0 });
    }
    effects.writes.push(ComponentWrite {
        query: 1,
        entity: counter.entity,
        component_id: 1,
        value: count,
    });
    ((), effects)
}

fn configure_removal(config: &mut SystemConfig) {
    config.add_query(vec![Fetch::Entity], vec![Filter::With(0)]);
    config.add_query(vec![Fetch::Write(1)], vec![]);
}

#[test]
fn parallel_with_commands_as_exclusive() {
    let mut world = World::new();
    let f = world.init_component(TYPE_F);
    let counter = world.init_component(TYPE_COUNTER);
    assert_eq!((f, counter), (0, 1));
    let counter_entity = world.spawn().unwrap();

    let mut system = removal.system("removal".to_string(), SystemId::new(1)).config(configure_removal);
    system.initialize(&mut world).unwrap();
    let entity = world.spawn().unwrap();
    world.insert(entity, f, 0).unwrap();
    world.insert(counter_entity, counter, 0).unwrap();
    for _ in 0..2 {
        system.update_archetypes(&world);
        system.run_unsafe((), &mut world);
        system.apply_buffers(&mut world);
    }
    assert_eq!(world.get(counter_entity, counter), Some(1));

    let mut system = removal
        .system("removal".to_string(), SystemId::new(2))
        .config(configure_removal)
        .exclusive_system("removal".to_string(), SystemId::new(2));
    system.initialize(&mut world).unwrap();
    let entity = world.spawn().unwrap();
    world.insert(entity, f, 0).unwrap();
    world.insert(counter_entity, counter, 0).unwrap();
    system.run(&mut world);
    system.run(&mut world);
    assert_eq!(world.get(counter_entity, counter), Some(1));
    assert_eq!(world.get(entity, f), None);
    assert_eq!(ExclusiveSystem::name(&system), "removal");
    assert_eq!(ExclusiveSystem::id(&system), SystemId::new(2));
}

#[test]
fn a_new_system_state_has_never_run() {
    let mut state = SystemState::new("state".to_string(), SystemId::new(3));
    assert!(state.is_send());
    state.set_non_send();
    assert!(!state.is_send());
    state.set_non_send();
    assert!(!state.is_send());
}

/// Writes the input into the component of every entity of the first
/// query, and returns how many there were.
fn overwrite(In(value): In<u64>, params: &SystemParams) -> (usize, SystemEffects) {
    let mut effects = SystemEffects::none();
    for item in params.queries[0].iter() {
        effects.writes.push(ComponentWrite {
            query: 0,
            entity: item.entity,
            component_id: 0,
            value,
        });
    }
    (params.queries[0].len(), effects)
}

#[test]
fn a_run_advances_the_counters_and_records_the_writes() {
    let mut world = World::new();
    let a = world.init_component(TYPE_A);
    let entity = world.spawn().unwrap();
    world.insert(entity, a, 1).unwrap();
    world.increment_global_system_counter();
    world.increment_global_system_counter();

    let mut system = overwrite
        .system("overwrite".to_string(), SystemId::new(7))
        .config(|config: &mut SystemConfig| config.add_query(vec![Fetch::Write(0)], vec![]));
    assert_eq!(System::name(&system), "overwrite");
    assert_eq!(System::id(&system), SystemId::new(7));
    assert!(System::is_send(&system));
    system.initialize(&mut world).unwrap();
    assert!(system.component_access().has_write(a));

    assert_eq!(system.run_unsafe(5, &mut world), 1);
    assert_eq!(world.global_system_counter(), 3);
    let cell = world.get_stored(entity, a).unwrap();
    assert_eq!(cell.value, 5);
    assert_eq!(cell.counters.added, 0);
    assert_eq!(cell.counters.changed, 2);
    let id = world.archetype_component_id(entity, a).unwrap();
    assert!(system.archetype_component_access().has_write(id));
    // An archetype that is created later enters the declared access
    // when the system is brought up to date.
    let b = world.init_component(TYPE_B);
    let later = world.spawn().unwrap();
    world.insert(later, a, 1).unwrap();
    world.insert(later, b, 1).unwrap();
    let later_id = world.archetype_component_id(later, a).unwrap();
    assert!(!system.archetype_component_access().has_write(later_id));
    system.update_archetypes(&world);
    assert!(system.archetype_component_access().has_write(later_id));
    world.despawn(later);

    system.check_system_counter(2u32.wrapping_add(MAX_AGE).wrapping_add(10));
    system.run_unsafe(6, &mut world);
    assert_eq!(world.get(entity, a), Some(6));
    assert_eq!(world.global_system_counter(), 4);
}

/// Asks for a write of a component that its query only reads.
fn oversteps(params: &SystemParams) -> ((), SystemEffects) {
    let mut effects = SystemEffects::none();
    for item in params.queries[0].iter() {
        effects.writes.push(ComponentWrite { query: 0, entity: item.entity, component_id: 0, value: 9 });
        effects.writes.push(ComponentWrite { query: 0, entity: item.entity, component_id: 1, value: 9 });
        effects.writes.push(ComponentWrite { query: 4, entity: item.entity, component_id: 1, value: 8 });
    }
    ((), effects)
}

#[test]
fn a_write_outside_the_declared_access_is_refused() {
    let mut world = World::new();
    let a = world.init_component(TYPE_A);
    let b = world.init_component(TYPE_B);
    let entity = world.spawn().unwrap();
    world.insert(entity, a, 1).unwrap();
    world.insert(entity, b, 2).unwrap();
    let mut system = oversteps
        .system("oversteps".to_string(), SystemId::new(8))
        .config(|config: &mut SystemConfig| {
            config.add_query(vec![Fetch::Read(0), Fetch::Write(1)], vec![])
        });
    system.initialize(&mut world).unwrap();
    system.run_unsafe((), &mut world);
    assert_eq!(world.get(entity, a), Some(1));
    assert_eq!(world.get(entity, b), Some(9));
}

fn nothing(_params: &SystemParams) -> ((), SystemEffects) {
    ((), SystemEffects::none())
}

#[test]
fn queries_of_one_system_must_not_collide() {
    let mut world = World::new();
    let a = world.init_component(TYPE_A);
    let b = world.init_component(TYPE_B);
    let mut colliding = nothing
        .system("colliding".to_string(), SystemId::new(9))
        .config(|config: &mut SystemConfig| {
            config.add_query(vec![Fetch::Read(0)], vec![]);
            config.add_query(vec![Fetch::Write(0)], vec![]);
        });
    assert_eq!(colliding.initialize(&mut world), Err(QueryError::Conflict(a)));
    // The system has stayed as it was and can be set up again.
    assert_eq!(colliding.initialize(&mut world), Err(QueryError::Conflict(a)));
    let mut mended = colliding.config(|config: &mut SystemConfig| {
        config.queries.pop();
        config.add_query(vec![Fetch::Write(1)], vec![]);
    });
    assert_eq!(mended.initialize(&mut world), Ok(()));
    assert!(mended.component_access().has_read(a));
    assert!(!mended.component_access().has_write(a));
    assert!(mended.component_access().has_write(b));

    let mut disjoint = nothing
        .system("disjoint".to_string(), SystemId::new(10))
        .config(|config: &mut SystemConfig| {
            config.add_query(vec![Fetch::Write(0)], vec![Filter::With(1)]);
            config.add_query(vec![Fetch::Write(0)], vec![Filter::Without(1)]);
        });
    assert_eq!(disjoint.initialize(&mut world), Ok(()));
    assert!(disjoint.component_access().has_write(a));
    assert!(!disjoint.component_access().has_write(b));

    let mut unknown = nothing
        .system("unknown".to_string(), SystemId::new(11))
        .config(|config: &mut SystemConfig| config.add_query(vec![Fetch::Read(5)], vec![]));
    assert_eq!(unknown.initialize(&mut world), Err(QueryError::UnknownComponent(5)));
}

fn set_all_of(component_id: usize, value: u64) -> impl Fn(&SystemParams) -> ((), SystemEffects) {
    move |params: &SystemParams| {
        let mut effects = SystemEffects::none();
        for item in params.queries[0].iter() {
            effects.writes.push(ComponentWrite { query: 0, entity: item.entity, component_id, value });
        }
        ((), effects)
    }
}

fn run_two_systems(a_first: bool) -> Vec<(Option<u64>, Option<u64>)> {
    let mut world = World::new();
    let a = world.init_component(TYPE_A);
    let b = world.init_component(TYPE_B);
    let mut entities = Vec::new();
    for value in 0..3u64 {
        let entity = world.spawn().unwrap();
        world.insert(entity, a, value).unwrap();
        if value > 0 {
            world.insert(entity, b, value).unwrap();
        }
        entities.push(entity);
    }
    let mut writes_a = set_all_of(0, 100)
        .system("writes_a".to_string(), SystemId::new(1))
        .config(|config: &mut SystemConfig| config.add_query(vec![Fetch::Write(0)], vec![]));
    let mut writes_b = set_all_of(1, 200)
        .system("writes_b".to_string(), SystemId::new(2))
        .config(|config: &mut SystemConfig| config.add_query(vec![Fetch::Write(1)], vec![]));
    writes_a.initialize(&mut world).unwrap();
    writes_b.initialize(&mut world).unwrap();
    assert!(writes_a.archetype_component_access().is_compatible(writes_b.archetype_component_access()));
    if a_first {
        writes_a.run_unsafe((), &mut world);
        writes_b.run_unsafe((), &mut world);
    } else {
        writes_b.run_unsafe((), &mut world);
        writes_a.run_unsafe((), &mut world);
    }
    entities.iter().map(|entity| (world.get(*entity, a), world.get(*entity, b))).collect()
}

#[test]
fn systems_with_disjoint_access_commute() {
    let one = run_two_systems(true);
    let other = run_two_systems(false);
    assert_eq!(one, other);
    assert_eq!(one, vec![(Some(100), None), (Some(100), Some(200)), (Some(100), Some(200))]);
}

fn spawn_marker(world: World) -> World {
    let mut world = world;
    let marker = world.init_component(0x77);
    let seen = world.exclusive_system_counter() as u64;
    let entity = world.spawn().unwrap();
    world.insert(entity, marker, seen).unwrap();
    world
}

#[test]
fn an_exclusive_function_changes_the_structure_at_once() {
    let mut world = World::new();
    world.set_exclusive_system_counter(42);
    world.increment_global_system_counter();
    let mut system = spawn_marker.exclusive_system("spawn_marker".to_string(), SystemId::new(4));
    assert_eq!(system.initialize(&mut world), Ok(()));
    system.run(&mut world);
    let marker = world.components().get_id(0x77).unwrap();
    let entity = Entity::new(0, 0);
    // The function saw the counter of a system that never ran.
    assert_eq!(world.get(entity, marker), Some(u32::MAX as u64));
    assert_eq!(world.exclusive_system_counter(), 42);
    assert_eq!(world.global_system_counter(), 2);
    system.run(&mut world);
    // On its second run it saw the counter of its first.
    assert_eq!(world.get(Entity::new(1, 0), marker), Some(1));
    assert_eq!(world.global_system_counter(), 3);
    system.check_system_counter(3);
    assert_eq!(system.name(), "spawn_marker");
    assert_eq!(system.id(), SystemId::new(4));
}

#[test]
fn commands_are_replayed_in_the_order_of_recording() {
    let mut world = World::new();
    let a = world.init_component(TYPE_A);
    let entity = world.spawn().unwrap();
    let doomed = world.spawn().unwrap();
    let mut queue = CommandQueue::new();
    queue.insert(entity, a, 1);
    queue.insert(entity, a, 2);
    queue.remove(doomed, a);
    queue.despawn(doomed);
    queue.insert(doomed, a, 3);
    queue.push(Command::Insert { entity, component_id: 9, value: 1 });
    queue.extend(&vec![Command::Remove { entity, component_id: a }, Command::Insert {
        entity,
        component_id: a,
        value: 4,
    }]);
    queue.apply(&mut world);
    assert_eq!(world.get(entity, a), Some(4));
    assert!(!world.contains(doomed));
    // The queue is empty afterwards.
    world.remove(entity, a).unwrap();
    queue.apply(&mut world);
    assert_eq!(world.get(entity, a), None);
}

fn advance_twice(world: World) -> World {
    let mut world = world;
    world.increment_global_system_counter();
    world.increment_global_system_counter();
    world
}

fn read_counter(world: World) -> World {
    let mut world = world;
    let marker = world.init_component(0x78);
    let seen = world.exclusive_system_counter() as u64;
    let entity = world.spawn().unwrap();
    world.insert(entity, marker, seen).unwrap();
    world
}

#[test]
fn an_exclusive_system_keeps_the_counter_of_its_invocation() {
    let mut world = World::new();
    for _ in 0..5 {
        world.increment_global_system_counter();
    }
    let mut advancing = advance_twice.exclusive_system("advancing".to_string(), SystemId::new(1));
    advancing.run(&mut world);
    // The function moved the global counter on by two, the run by one more.
    assert_eq!(world.global_system_counter(), 8);
    // On its next run the system holds the counter at which it was invoked.
    let mut reading = read_counter.exclusive_system("reading".to_string(), SystemId::new(2));
    reading.run(&mut world);
    assert_eq!(world.global_system_counter(), 9);
    reading.run(&mut world);
    let marker = world.components().get_id(0x78).unwrap();
    assert_eq!(world.get(Entity::new(0, 0), marker), Some(u32::MAX as u64));
    assert_eq!(world.get(Entity::new(1, 0), marker), Some(8));
    // A system that was invoked at five holds five, however far the
    // global counter has moved on since.
    let mut both = World::new();
    for _ in 0..5 {
        both.increment_global_system_counter();
    }
    let mut system = read_counter.exclusive_system("reading".to_string(), SystemId::new(3));
    system.run(&mut both);
    both.increment_global_system_counter();
    both.increment_global_system_counter();
    system.run(&mut both);
    let marker = both.components().get_id(0x78).unwrap();
    assert_eq!(both.get(Entity::new(1, 0), marker), Some(5));
}
