//! What holds of the store, of queries and of systems whatever they are
//! used for.

use vstd::prelude::*;
use crate::archetype::lemma_sorted_same_members;
use crate::component::{id_of, ComponentCounters, ComponentDescriptor, ComponentId, Stored};
use crate::entity::Entity;
use crate::query::access::AccessView;
use crate::query::direct::{component_result, QueryComponentError};
use crate::query::shape::{used, used_at, Fetch, Filter, QueryItemView, QueryShape, UseKind};
use crate::query::write::{apply_write, apply_writes, write_applies, ComponentWrite};
use crate::system::commands::{apply_commands, Command};
use crate::system::into_system::{lemma_union_contains, union_access};
use crate::world::{sorted_members, WorldView};

verus! {

/// A live entity stands in one row of one archetype and in no other
/// row, the component types of that archetype are those of the entity,
/// and no other archetype has these component types.
pub proof fn lemma_entity_in_exactly_one_archetype(world: WorldView, entity: Entity, a: int, r: int)
    requires
        world.wf(),
        world.contains(entity),
    ensures
        ({
            let home = world.locations[entity];
            &&& home.archetype_id < world.archetypes.len()
            &&& home.index < world.archetypes[home.archetype_id as int].entities.len()
            &&& world.archetypes[home.archetype_id as int].entities[home.index as int] == entity
            &&& world.archetypes[home.archetype_id as int].components.to_set()
                == world.entities[entity].dom()
            &&& (0 <= a < world.archetypes.len() && 0 <= r < world.archetypes[a].entities.len()
                && world.archetypes[a].entities[r] == entity) ==> (a == home.archetype_id && r
                == home.index)
            &&& (0 <= a < world.archetypes.len() && world.archetypes[a].components.to_set()
                == world.entities[entity].dom()) ==> a == home.archetype_id
        }),
{
    let home = world.locations[entity];
    assert(world.locations.contains_key(entity));
    if 0 <= a < world.archetypes.len() && world.archetypes[a].components.to_set()
        == world.entities[entity].dom() {
        let here = world.archetypes[a].components;
        let there = world.archetypes[home.archetype_id as int].components;
        assert forall|c: usize| here.contains(c) <==> there.contains(c) by {
            assert(here.to_set().contains(c) == there.to_set().contains(c));
        }
        lemma_sorted_same_members(here, there);
        if a < home.archetype_id {
            assert(world.archetypes[a].components
                != world.archetypes[home.archetype_id as int].components);
        }
        if home.archetype_id < a {
            assert(world.archetypes[home.archetype_id as int].components
                != world.archetypes[a].components);
        }
    }
}

/// A handle whose generation is not the generation of its index is not
/// live. The generation of an index only goes up, when a handle is
/// freed, so a handle that was freed is never live again.
pub proof fn lemma_stale_handle_is_not_live(world: WorldView, entity: Entity)
    requires
        world.wf(),
        entity.id >= world.generations.len() || entity.generation
            != world.generations[entity.id as int],
    ensures
        !world.contains(entity),
{
    if world.contains(entity) {
        assert(world.locations.contains_key(entity));
    }
}

/// After a live handle was freed it is stale, unless its index has run
/// out of generations, and then the index is not issued again.
pub proof fn lemma_despawn_makes_stale(world: WorldView, entity: Entity)
    requires
        world.wf(),
        world.contains(entity),
    ensures
        !world.despawned(entity).contains(entity),
        entity.generation < u32::MAX ==> world.despawned(entity).generations[entity.id as int]
            == entity.generation + 1,
        entity.generation == u32::MAX ==> world.despawned(entity).free_indices
            == world.free_indices,
{
    assert(world.locations.contains_key(entity));
}

/// After a component was inserted, the entity holds it with the value
/// inserted, and both counters of the component are the global counter
/// of the time of the insertion.
pub proof fn lemma_insert_then_get(world: WorldView, entity: Entity, c: ComponentId, value: u64)
    requires
        world.contains(entity),
    ensures
        ({
            let bundle = map![c => value];
            let after = world.moved(
                entity,
                world.bundle_target(entity, bundle),
                world.with_bundle(entity, bundle),
            );
            &&& after.has(entity, c)
            &&& after.entities[entity][c].value == value
            &&& after.entities[entity][c].counters.added == world.global_system_counter
            &&& after.entities[entity][c].counters.changed == world.global_system_counter
            &&& forall|d: ComponentId|
                d != c ==> (after.has(entity, d) == world.has(entity, d)) && (world.has(entity, d)
                    ==> after.entities[entity][d] == world.entities[entity][d])
        }),
{
}

/// After a component was removed, the entity does not hold it, and
/// holds its other components as before.
pub proof fn lemma_remove_then_get(world: WorldView, entity: Entity, c: ComponentId)
    requires
        world.has(entity, c),
    ensures
        ({
            let after = world.moved(
                entity,
                sorted_members(world.entities[entity].dom().remove(c)),
                world.entities[entity].remove(c),
            );
            &&& after.contains(entity)
            &&& !after.has(entity, c)
            &&& forall|d: ComponentId|
                d != c ==> (after.has(entity, d) == world.has(entity, d)) && (world.has(entity, d)
                    ==> after.entities[entity][d] == world.entities[entity][d])
        }),
{
}

/// After a component was removed from a live entity, a direct query
/// that is asked for it answers that the component is missing, whatever
/// its access.
pub proof fn lemma_removed_component_is_missing(
    world: WorldView,
    access: AccessView,
    entity: Entity,
    type_id: u64,
    write: bool,
)
    requires
        id_of(world.registry, type_id) matches Some(c) && world.has(entity, c),
    ensures
        ({
            let c = id_of(world.registry, type_id).unwrap();
            let after = world.moved(
                entity,
                sorted_members(world.entities[entity].dom().remove(c)),
                world.entities[entity].remove(c),
            );
            component_result(after, access, entity, type_id, write) == Err::<
                u64,
                QueryComponentError,
            >(QueryComponentError::MissingComponent)
        }),
{
}

/// An entity passes a query that asks for nothing but that the entity
/// hold a component for as long as it holds the component, whatever the
/// counters of the component and whenever the system last ran.
pub proof fn lemma_with_ignores_counters(
    world: WorldView,
    entity: Entity,
    c: ComponentId,
    system_counter: u32,
    global_system_counter: u32,
)
    requires
        world.wf(),
        world.contains(entity),
    ensures
        (QueryShape { fetches: Seq::empty(), filters: seq![Filter::With(c)] }).selects(
            world,
            entity,
            system_counter,
            global_system_counter,
        ) <==> world.has(entity, c),
{
    let shape = QueryShape { fetches: Seq::empty(), filters: seq![Filter::With(c)] };
    let home = world.locations[entity];
    assert(world.locations.contains_key(entity));
    let components = world.archetypes[home.archetype_id as int].components;
    assert(components.to_set().contains(c) == world.entities[entity].dom().contains(c));
    assert(shape.uses().len() == 1);
    assert(shape.uses()[0] == Some(Filter::With(c).term_use()));
    assert(shape.passes(world.entities[entity], system_counter, global_system_counter));
    if components.contains(c) {
        assert(shape.matches(components));
    }
}

/// The storage strategies of the component types are not observed: two
/// stores that differ in nothing else answer insertions and removals
/// alike, stay alike when they are carried out, and yield the same query
/// items.
pub proof fn lemma_storage_is_not_observed(
    one: WorldView,
    other: WorldView,
    entity: Entity,
    bundle: Map<ComponentId, u64>,
    c: ComponentId,
    shape: QueryShape,
    system_counter: u32,
    global_system_counter: u32,
)
    requires
        one.registry.len() == other.registry.len(),
        forall|i: int|
            0 <= i < one.registry.len() ==> (#[trigger] one.registry[i]).type_id
                == other.registry[i].type_id,
        other == (WorldView { registry: other.registry, ..one }),
    ensures
        one.insert_result(entity, bundle) == other.insert_result(entity, bundle),
        one.remove_result(entity, c) == other.remove_result(entity, c),
        other.moved(
            entity,
            other.bundle_target(entity, bundle),
            other.with_bundle(entity, bundle),
        ) == (WorldView {
            registry: other.registry,
            ..one.moved(entity, one.bundle_target(entity, bundle), one.with_bundle(entity, bundle))
        }),
        other.moved(
            entity,
            sorted_members(other.entities[entity].dom().remove(c)),
            other.entities[entity].remove(c),
        ) == (WorldView {
            registry: other.registry,
            ..one.moved(
                entity,
                sorted_members(one.entities[entity].dom().remove(c)),
                one.entities[entity].remove(c),
            )
        }),
        shape.error(one.registry.len()) == shape.error(other.registry.len()),
        forall|n: int|
            0 <= n <= one.archetypes.len() ==> #[trigger] shape.items(
                other,
                n,
                system_counter,
                global_system_counter,
            ) == shape.items(one, n, system_counter, global_system_counter),
{
    assert(one.with_bundle(entity, bundle) =~= other.with_bundle(entity, bundle));
    let target = one.bundle_target(entity, bundle);
    assert(one.has_archetype(target) == other.has_archetype(target));
    let rest = sorted_members(one.entities[entity].dom().remove(c));
    assert(one.has_archetype(rest) == other.has_archetype(rest));
    assert forall|n: int| 0 <= n <= one.archetypes.len() implies #[trigger] shape.items(
        other,
        n,
        system_counter,
        global_system_counter,
    ) == shape.items(one, n, system_counter, global_system_counter) by {
        lemma_items_alike(shape, one, other, n, system_counter, global_system_counter);
    }
}

/// A component that was inserted or written at `written` passes the
/// filters "added" and "changed" of a system that last ran before then,
/// and does not pass them for a system that last ran at or after then,
/// as long as the global counter has not wrapped past either.
pub proof fn lemma_change_is_seen_once(
    shape: QueryShape,
    cells: Map<ComponentId, Stored>,
    c: ComponentId,
    written: u32,
    system_counter: u32,
    global_system_counter: u32,
)
    requires
        shape.filters == seq![Filter::Changed(c)] || shape.filters == seq![Filter::Added(c)],
        cells[c].counters == (ComponentCounters { added: written, changed: written }),
        written <= global_system_counter,
        system_counter <= global_system_counter,
    ensures
        shape.passes(cells, system_counter, global_system_counter) <==> system_counter < written,
{
    if system_counter < written {
        assert forall|j: int| 0 <= j < shape.filters.len()
            implies match #[trigger] shape.filters[j] {
            Filter::Added(c) => cells[c].counters.added_since(system_counter,
                global_system_counter),
            Filter::Changed(c) => cells[c].counters.changed_since(
                system_counter,
                global_system_counter,
            ),
            _ => true,
        } by {}
    } else {
        assert(shape.filters[0] == Filter::Changed(c) || shape.filters[0] == Filter::Added(c));
    }
}

/// For a system that has never run, whose counter is the largest there
/// is, every component whose counters do not lie ahead of the global
/// counter passes every filter on counters, unless the global counter
/// is itself the largest there is.
pub proof fn lemma_first_run_sees_everything(
    shape: QueryShape,
    cells: Map<ComponentId, Stored>,
    global_system_counter: u32,
)
    requires
        global_system_counter < u32::MAX,
        forall|c: ComponentId|
            (#[trigger] cells[c]).counters.added <= global_system_counter
                && cells[c].counters.changed <= global_system_counter,
    ensures
        shape.passes(cells, u32::MAX, global_system_counter),
{
    assert forall|j: int| 0 <= j < shape.filters.len() implies match #[trigger] shape.filters[j] {
        Filter::Added(c) => cells[c].counters.added_since(u32::MAX, global_system_counter),
        Filter::Changed(c) => cells[c].counters.changed_since(u32::MAX, global_system_counter),
        _ => true,
    } by {
        match shape.filters[j] {
            Filter::Added(c) => {
                assert(cells[c].counters.added <= global_system_counter);
            },
            Filter::Changed(c) => {
                assert(cells[c].counters.changed <= global_system_counter);
            },
            _ => {},
        }
    }
}

/// Every footprint of one system is compatible with every footprint of
/// the other.
pub open spec fn compatible(first: Seq<AccessView>, second: Seq<AccessView>) -> bool {
    forall|p: int, q: int|
        0 <= p < first.len() && 0 <= q < second.len() ==> (#[trigger] first[p]).is_compatible(
            #[trigger] second[q],
        )
}

/// Two systems whose declared footprints, the unions of the footprints
/// of their queries, are compatible have pairwise compatible queries.
pub proof fn lemma_union_compatible(first: Seq<AccessView>, second: Seq<AccessView>)
    requires
        union_access(first, first.len() as int).is_compatible(
            union_access(second, second.len() as int),
        ),
    ensures
        compatible(first, second),
{
    let one = union_access(first, first.len() as int);
    let other = union_access(second, second.len() as int);
    assert forall|p: int, q: int| 0 <= p < first.len() && 0 <= q < second.len() implies (
    #[trigger] first[p]).is_compatible(#[trigger] second[q]) by {
        assert forall|id: usize| !#[trigger] first[p].conflicts_at(second[q], id) by {
            lemma_union_contains(first, first.len() as int, p, id);
            lemma_union_contains(second, second.len() as int, q, id);
            assert(!one.conflicts_at(other, id));
        }
    }
}

/// A write that is carried out lies within the footprint that its
/// system declares.
pub proof fn lemma_write_within_declared_access(
    world: WorldView,
    accesses: Seq<AccessView>,
    write: ComponentWrite,
)
    requires
        write_applies(world, accesses, write),
    ensures
        union_access(accesses, accesses.len() as int).has_write(
            world.access_id(write.entity, write.component_id),
        ),
{
    lemma_union_contains(
        accesses,
        accesses.len() as int,
        write.query as int,
        world.access_id(write.entity, write.component_id),
    );
}

/// The two views show the same entities in the same places, with the
/// same components of the same values; counters may differ.
pub open spec fn same_values(one: WorldView, other: WorldView) -> bool {
    &&& one.registry == other.registry
    &&& one.archetypes == other.archetypes
    &&& one.locations == other.locations
    &&& one.entities.dom() == other.entities.dom()
    &&& forall|e: Entity| #[trigger]
        one.entities.contains_key(e) ==> one.entities[e].dom() == other.entities[e].dom()
    &&& forall|e: Entity, c: ComponentId|
        one.entities.contains_key(e) && one.entities[e].contains_key(c) ==> (
        #[trigger] one.entities[e][c]).value == other.entities[e][c].value
}

/// A write of one system and a write of another commute when the
/// footprints of the systems are compatible.
pub proof fn lemma_write_write_commute(
    world: WorldView,
    first: Seq<AccessView>,
    x: ComponentWrite,
    t1: u32,
    second: Seq<AccessView>,
    y: ComponentWrite,
    t2: u32,
)
    requires
        compatible(first, second),
    ensures
        apply_write(apply_write(world, first, x, t1), second, y, t2) == apply_write(
            apply_write(world, second, y, t2),
            first,
            x,
            t1,
        ),
{
    let wx = apply_write(world, first, x, t1);
    let wy = apply_write(world, second, y, t2);
    assert(write_applies(wx, second, y) == write_applies(world, second, y));
    assert(write_applies(wy, first, x) == write_applies(world, first, x));
    if write_applies(world, first, x) && write_applies(world, second, y) {
        if x.entity == y.entity && x.component_id == y.component_id {
            let id = world.access_id(x.entity, x.component_id);
            assert(first[x.query as int].is_compatible(second[y.query as int]));
            assert(first[x.query as int].conflicts_at(second[y.query as int], id));
        }
        let one = apply_write(wx, second, y, t2);
        let other = apply_write(wy, first, x, t1);
        assert(one.entities =~~= other.entities);
    }
}

/// A write of one system commutes with the writes of another when the
/// footprints of the systems are compatible.
pub proof fn lemma_write_writes_commute(
    world: WorldView,
    first: Seq<AccessView>,
    xs: Seq<ComponentWrite>,
    n: int,
    t1: u32,
    second: Seq<AccessView>,
    y: ComponentWrite,
    t2: u32,
)
    requires
        compatible(first, second),
    ensures
        apply_write(apply_writes(world, first, xs, n, t1), second, y, t2) == apply_writes(
            apply_write(world, second, y, t2),
            first,
            xs,
            n,
            t1,
        ),
    decreases n,
{
    if n > 0 {
        let before = apply_writes(world, first, xs, n - 1, t1);
        lemma_write_write_commute(before, first, xs[n - 1], t1, second, y, t2);
        lemma_write_writes_commute(world, first, xs, n - 1, t1, second, y, t2);
    }
}

/// The writes of two systems with compatible footprints can be carried
/// out in either order: the store is the same afterwards.
pub proof fn lemma_writes_commute(
    world: WorldView,
    first: Seq<AccessView>,
    xs: Seq<ComponentWrite>,
    n: int,
    t1: u32,
    second: Seq<AccessView>,
    ys: Seq<ComponentWrite>,
    m: int,
    t2: u32,
)
    requires
        compatible(first, second),
    ensures
        apply_writes(apply_writes(world, first, xs, n, t1), second, ys, m, t2) == apply_writes(
            apply_writes(world, second, ys, m, t2),
            first,
            xs,
            n,
            t1,
        ),
    decreases m,
{
    if m > 0 {
        lemma_writes_commute(world, first, xs, n, t1, second, ys, m - 1, t2);
        lemma_write_writes_commute(
            apply_writes(world, second, ys, m - 1, t2),
            first,
            xs,
            n,
            t1,
            second,
            ys[m - 1],
            t2,
        );
    }
}

/// Writes leave the same values whatever the counter at which they are
/// carried out, and on stores that agree on values they agree.
pub proof fn lemma_writes_same_values(
    one: WorldView,
    other: WorldView,
    accesses: Seq<AccessView>,
    writes: Seq<ComponentWrite>,
    n: int,
    t1: u32,
    t2: u32,
)
    requires
        same_values(one, other),
    ensures
        same_values(
            apply_writes(one, accesses, writes, n, t1),
            apply_writes(other, accesses, writes, n, t2),
        ),
    decreases n,
{
    if n > 0 {
        lemma_writes_same_values(one, other, accesses, writes, n - 1, t1, t2);
        let a = apply_writes(one, accesses, writes, n - 1, t1);
        let b = apply_writes(other, accesses, writes, n - 1, t2);
        let w = writes[n - 1];
        assert(write_applies(a, accesses, w) == write_applies(b, accesses, w)) by {
            if a.entities.contains_key(w.entity) {
                assert(a.entities[w.entity].dom() == b.entities[w.entity].dom());
            }
        }
        let a2 = apply_write(a, accesses, w, t1);
        let b2 = apply_write(b, accesses, w, t2);
        if write_applies(a, accesses, w) {
            assert(a2.entities.dom() =~= b2.entities.dom());
            assert forall|e: Entity| #[trigger] a2.entities.contains_key(e)
                implies a2.entities[e].dom()
                == b2.entities[e].dom() by {
                assert(a.entities.contains_key(e));
                assert(a.entities[e].dom() == b.entities[e].dom());
                assert(a2.entities[e].dom() =~= b2.entities[e].dom());
            }
            assert forall|e: Entity, c: ComponentId|
                a2.entities.contains_key(e) && a2.entities[e].contains_key(c) implies (
            #[trigger] a2.entities[e][c]).value == b2.entities[e][c].value by {
                if !(e == w.entity && c == w.component_id) {
                    assert(a.entities.contains_key(e) && a.entities[e].contains_key(c));
                    assert(a.entities[e][c].value == b.entities[e][c].value);
                }
            }
        }
    }
}

/// Two systems with compatible footprints leave the same component
/// values whichever of them runs first. The counters at which their
/// writes are recorded depend on the order and may differ.
pub proof fn lemma_compatible_systems_commute(
    world: WorldView,
    first: Seq<AccessView>,
    first_writes: Seq<ComponentWrite>,
    second: Seq<AccessView>,
    second_writes: Seq<ComponentWrite>,
    t1: u32,
    t2: u32,
    t3: u32,
    t4: u32,
)
    requires
        compatible(first, second),
    ensures
        same_values(
            apply_writes(
                apply_writes(world, first, first_writes, first_writes.len() as int, t1),
                second,
                second_writes,
                second_writes.len() as int,
                t2,
            ),
            apply_writes(
                apply_writes(world, second, second_writes, second_writes.len() as int, t3),
                first,
                first_writes,
                first_writes.len() as int,
                t4,
            ),
        ),
{
    let n = first_writes.len() as int;
    let m = second_writes.len() as int;
    lemma_writes_commute(world, first, first_writes, n, t4, second, second_writes, m, t3);
    lemma_writes_same_values(world, world, first, first_writes, n, t1, t4);
    lemma_writes_same_values(
        apply_writes(world, first, first_writes, n, t1),
        apply_writes(world, first, first_writes, n, t4),
        second,
        second_writes,
        m,
        t2,
        t3,
    );
}

/// The two sets of components have the same types, and they agree on
/// every component that the query reads or writes.
pub open spec fn reads_alike(
    shape: QueryShape,
    one: Map<ComponentId, Stored>,
    other: Map<ComponentId, Stored>,
) -> bool {
    &&& one.dom() == other.dom()
    &&& forall|c: ComponentId|
        used(shape.uses(), shape.uses().len() as int, c, UseKind::Access) ==> #[trigger] one[c]
            == other[c]
}

/// What a query makes of an entity depends only on the components that
/// the query reads or writes.
pub proof fn lemma_reads_alike(
    shape: QueryShape,
    entity: Entity,
    one: Map<ComponentId, Stored>,
    other: Map<ComponentId, Stored>,
    system_counter: u32,
    global_system_counter: u32,
)
    requires
        reads_alike(shape, one, other),
    ensures
        shape.passes(one, system_counter, global_system_counter) == shape.passes(
            other,
            system_counter,
            global_system_counter,
        ),
        shape.item(entity, one) == shape.item(entity, other),
{
    let uses = shape.uses();
    let all = uses.len() as int;
    assert forall|j: int| 0 <= j < shape.filters.len() implies match #[trigger] shape.filters[j] {
        Filter::Added(c) => one[c] == other[c],
        Filter::Changed(c) => one[c] == other[c],
        _ => true,
    } by {
        let at = shape.fetches.len() + j;
        assert(uses[at] == Some(shape.filters[j].term_use()));
        match shape.filters[j] {
            Filter::Added(c) => {
                assert(used_at(uses, at, c, UseKind::Access));
            },
            Filter::Changed(c) => {
                assert(used_at(uses, at, c, UseKind::Access));
            },
            _ => {},
        }
    }
    assert forall|i: int| 0 <= i < shape.fetches.len() implies #[trigger] shape.item(
        entity,
        one,
    ).values[i] == shape.item(entity, other).values[i] by {
        assert(uses[i] == shape.fetches[i].term_use());
        match shape.fetches[i].component() {
            Some(c) => {
                assert(used_at(uses, i, c, UseKind::Access));
                assert(one.contains_key(c) == other.contains_key(c));
            },
            None => {},
        }
    }
    assert(shape.item(entity, one).values =~= shape.item(entity, other).values);
}

/// The items of the rows of an archetype are the same in two stores
/// that show the same rows with components that the query reads alike.
pub proof fn lemma_row_items_alike(
    shape: QueryShape,
    one: WorldView,
    other: WorldView,
    a: int,
    n: int,
    system_counter: u32,
    global_system_counter: u32,
)
    requires
        0 <= a < one.archetypes.len(),
        0 <= n <= one.archetypes[a].entities.len(),
        one.archetypes == other.archetypes,
        forall|r: int|
            0 <= r < n ==> reads_alike(
                shape,
                one.entities[#[trigger] one.archetypes[a].entities[r]],
                other.entities[one.archetypes[a].entities[r]],
            ),
    ensures
        shape.row_items(one, a, n, system_counter, global_system_counter) == shape.row_items(
            other,
            a,
            n,
            system_counter,
            global_system_counter,
        ),
    decreases n,
{
    if n > 0 {
        lemma_row_items_alike(shape, one, other, a, n - 1, system_counter, global_system_counter);
        let entity = one.archetypes[a].entities[n - 1];
        lemma_reads_alike(
            shape,
            entity,
            one.entities[entity],
            other.entities[entity],
            system_counter,
            global_system_counter,
        );
    }
}

/// The items of a query are the same in two stores that show the same
/// archetypes, with components that the query reads alike wherever the
/// query looks.
pub proof fn lemma_items_alike(
    shape: QueryShape,
    one: WorldView,
    other: WorldView,
    n: int,
    system_counter: u32,
    global_system_counter: u32,
)
    requires
        0 <= n <= one.archetypes.len(),
        one.archetypes == other.archetypes,
        forall|a: int, r: int|
            0 <= a < n && shape.matches(one.archetypes[a].components) && 0 <= r
                < one.archetypes[a].entities.len() ==> reads_alike(
                shape,
                one.entities[#[trigger] one.archetypes[a].entities[r]],
                other.entities[one.archetypes[a].entities[r]],
            ),
    ensures
        shape.items(one, n, system_counter, global_system_counter) == shape.items(
            other,
            n,
            system_counter,
            global_system_counter,
        ),
    decreases n,
{
    if n > 0 {
        lemma_items_alike(shape, one, other, n - 1, system_counter, global_system_counter);
        if shape.matches(one.archetypes[n - 1].components) {
            lemma_row_items_alike(
                shape,
                one,
                other,
                n - 1,
                one.archetypes[n - 1].entities.len() as int,
                system_counter,
                global_system_counter,
            );
        }
    }
}

/// The footprint of a query is compatible with every footprint of a system.
pub open spec fn query_compatible(
    shape: QueryShape,
    world: WorldView,
    n: int,
    accesses: Seq<AccessView>,
) -> bool {
    forall|q: int|
        0 <= q < accesses.len() ==> shape.archetype_component_access(world, n).is_compatible(
            #[trigger] accesses[q],
        )
}

/// A write of a system leaves the items of a query as they were when
/// the footprint of the query is compatible with the footprints of the
/// system.
pub proof fn lemma_write_leaves_items(
    shape: QueryShape,
    world: WorldView,
    n: int,
    system_counter: u32,
    global_system_counter: u32,
    accesses: Seq<AccessView>,
    write: ComponentWrite,
    tick: u32,
)
    requires
        world.wf(),
        0 <= n <= world.archetypes.len(),
        query_compatible(shape, world, n, accesses),
    ensures
        shape.items(
            apply_write(world, accesses, write, tick),
            n,
            system_counter,
            global_system_counter,
        ) == shape.items(world, n, system_counter, global_system_counter),
        apply_write(world, accesses, write, tick).wf(),
        query_compatible(shape, apply_write(world, accesses, write, tick), n, accesses),
{
    let after = apply_write(world, accesses, write, tick);
    let uses = shape.uses();
    let all = uses.len() as int;
    if write_applies(world, accesses, write) {
        let e = write.entity;
        let c = write.component_id;
        let id = world.access_id(e, c);
        let home = world.locations[e];
        assert(world.locations.contains_key(e));
        assert(after.entities.dom() =~= world.entities.dom());
        assert(after.entities[e].dom() =~= world.entities[e].dom());
        assert(after.wf());
        assert forall|a: int, r: int|
            0 <= a < n && shape.matches(world.archetypes[a].components) && 0 <= r
                < world.archetypes[a].entities.len() implies reads_alike(
            shape,
            world.entities[#[trigger] world.archetypes[a].entities[r]],
            after.entities[world.archetypes[a].entities[r]],
        ) by {
            let x = world.archetypes[a].entities[r];
            if x == e {
                assert(a == home.archetype_id && r == home.index);
                if used(uses, all, c, UseKind::Access) {
                    let components = world.archetypes[a].components;
                    assert(world.entities[e].dom().contains(c));
                    assert(components.to_set().contains(c));
                    crate::archetype::lemma_position_of_member(components, c);
                    let k = crate::archetype::position(components, c);
                    assert(shape.touches_at(world, a, k, id, false));
                    assert(shape.touches_in(world, a, components.len() as int, id, false));
                    assert(shape.touches(world, n, id, false));
                    let mine = shape.archetype_component_access(world, n);
                    assert(mine.reads_and_writes.contains(id));
                    assert(mine.is_compatible(accesses[write.query as int]));
                    assert(mine.conflicts_at(accesses[write.query as int], id));
                }
            }
        }
        lemma_items_alike(shape, world, after, n, system_counter, global_system_counter);
        assert(shape.archetype_component_access(after, n) == shape.archetype_component_access(
            world,
            n,
        )) by {
            lemma_access_of_same_archetypes(shape, world, after, n);
        }
    }
}

/// The footprint of a query depends on the archetypes of the store only.
pub proof fn lemma_access_of_same_archetypes(shape: QueryShape, one: WorldView, other: WorldView,
    n: int)
    requires
        one.archetypes == other.archetypes,
    ensures
        shape.archetype_component_access(one, n) == shape.archetype_component_access(other, n),
{
    assert forall|id: usize, write: bool|
        shape.touches(one, n, id, write) == shape.touches(other, n, id, write) by {
        if shape.touches(one, n, id, write) {
            let a = choose|a: int|
                0 <= a < n && shape.touches_in(
                    one,
                    a,
                    one.archetypes[a].components.len() as int,
                    id,
                    write,
                );
            let k = choose|k: int|
                0 <= k < one.archetypes[a].components.len()
                    && shape.touches_at(one, a, k, id, write);
            assert(shape.touches_at(other, a, k, id, write));
            assert(shape.touches_in(other, a, other.archetypes[a].components.len() as int, id,
                write));
        }
        if shape.touches(other, n, id, write) {
            let a = choose|a: int|
                0 <= a < n && shape.touches_in(
                    other,
                    a,
                    other.archetypes[a].components.len() as int,
                    id,
                    write,
                );
            let k = choose|k: int|
                0 <= k < other.archetypes[a].components.len() && shape.touches_at(
                    other,
                    a,
                    k,
                    id,
                    write,
                );
            assert(shape.touches_at(one, a, k, id, write));
            assert(shape.touches_in(one, a, one.archetypes[a].components.len() as int, id, write));
        }
    }
    assert(shape.archetype_component_access(one, n).reads_and_writes
        =~= shape.archetype_component_access(other, n).reads_and_writes);
    assert(shape.archetype_component_access(one, n).writes =~= shape.archetype_component_access(
        other,
        n,
    ).writes);
}

/// The writes of a system leave the items of a query as they were when
/// the footprint of the query is compatible with the footprints of the
/// system: a system sees the same whether a compatible system has run
/// before it or not.
pub proof fn lemma_writes_leave_items(
    shape: QueryShape,
    world: WorldView,
    n: int,
    system_counter: u32,
    global_system_counter: u32,
    accesses: Seq<AccessView>,
    writes: Seq<ComponentWrite>,
    m: int,
    tick: u32,
)
    requires
        world.wf(),
        0 <= n <= world.archetypes.len(),
        query_compatible(shape, world, n, accesses),
    ensures
        shape.items(
            apply_writes(world, accesses, writes, m, tick),
            n,
            system_counter,
            global_system_counter,
        ) == shape.items(world, n, system_counter, global_system_counter),
        apply_writes(world, accesses, writes, m, tick).wf(),
        apply_writes(world, accesses, writes, m, tick).archetypes == world.archetypes,
        query_compatible(shape, apply_writes(world, accesses, writes, m, tick), n, accesses),
    decreases m,
{
    if m > 0 {
        lemma_writes_leave_items(
            shape,
            world,
            n,
            system_counter,
            global_system_counter,
            accesses,
            writes,
            m - 1,
            tick,
        );
        lemma_write_leaves_items(
            shape,
            apply_writes(world, accesses, writes, m - 1, tick),
            n,
            system_counter,
            global_system_counter,
            accesses,
            writes[m - 1],
            tick,
        );
    }
}

/// The entity in row `r` of archetype `a` meets the conditions of the
/// query on its counters, and `item` is its item.
pub open spec fn row_gives(
    shape: QueryShape,
    world: WorldView,
    a: int,
    r: int,
    system_counter: u32,
    global_system_counter: u32,
    item: QueryItemView,
) -> bool {
    let entity = world.archetypes[a].entities[r];
    &&& shape.passes(world.entities[entity], system_counter, global_system_counter)
    &&& item == shape.item(entity, world.entities[entity])
}

/// `item` is the item of an entity in one of the first `n` rows of
/// archetype `a`.
pub open spec fn from_rows(
    shape: QueryShape,
    world: WorldView,
    a: int,
    n: int,
    system_counter: u32,
    global_system_counter: u32,
    item: QueryItemView,
) -> bool {
    exists|r: int|
        0 <= r < n && #[trigger] row_gives(
            shape,
            world,
            a,
            r,
            system_counter,
            global_system_counter,
            item,
        )
}

/// `item` is the item of an entity in a row of one of the first `n`
/// archetypes, one that the query matches.
pub open spec fn from_archetypes(
    shape: QueryShape,
    world: WorldView,
    n: int,
    system_counter: u32,
    global_system_counter: u32,
    item: QueryItemView,
) -> bool {
    exists|a: int|
        0 <= a < n && shape.matches(world.archetypes[a].components) && #[trigger] from_rows(
            shape,
            world,
            a,
            world.archetypes[a].entities.len() as int,
            system_counter,
            global_system_counter,
            item,
        )
}

/// The items of the first `n` rows of an archetype are the items of the
/// entities in these rows that meet the conditions on their counters,
/// each once.
pub proof fn lemma_row_items_are_the_passing(
    shape: QueryShape,
    world: WorldView,
    a: int,
    n: int,
    system_counter: u32,
    global_system_counter: u32,
)
    requires
        world.wf(),
        0 <= a < world.archetypes.len(),
        0 <= n <= world.archetypes[a].entities.len(),
    ensures
        forall|i: int|
            0 <= i < shape.row_items(world, a, n, system_counter, global_system_counter).len()
                ==> from_rows(
                shape,
                world,
                a,
                n,
                system_counter,
                global_system_counter,
                #[trigger] shape.row_items(world, a, n, system_counter, global_system_counter)[i],
            ),
        forall|r: int|
            0 <= r < n && shape.passes(
                world.entities[#[trigger] world.archetypes[a].entities[r]],
                system_counter,
                global_system_counter,
            ) ==> shape.row_items(world, a, n, system_counter, global_system_counter).contains(
                shape.item(
                    world.archetypes[a].entities[r],
                    world.entities[world.archetypes[a].entities[r]],
                ),
            ),
        forall|i: int, j: int|
            0 <= i < j < shape.row_items(world, a, n, system_counter, global_system_counter).len()
                ==> (#[trigger] shape.row_items(
                world,
                a,
                n,
                system_counter,
                global_system_counter,
            )[i]).entity != (#[trigger] shape.row_items(
                world,
                a,
                n,
                system_counter,
                global_system_counter,
            )[j]).entity,
    decreases n,
{
    let sc = system_counter;
    let g = global_system_counter;
    let items = shape.row_items(world, a, n, sc, g);
    if n > 0 {
        lemma_row_items_are_the_passing(shape, world, a, n - 1, sc, g);
        let before = shape.row_items(world, a, n - 1, sc, g);
        let entity = world.archetypes[a].entities[n - 1];
        let cells = world.entities[entity];
        let passes = shape.passes(cells, sc, g);
        assert(items == (if passes {
            before.push(shape.item(entity, cells))
        } else {
            before
        }));
        assert forall|i: int| 0 <= i < items.len() implies from_rows(
            shape,
            world,
            a,
            n,
            sc,
            g,
            #[trigger] items[i],
        ) by {
            if i < before.len() {
                assert(from_rows(shape, world, a, n - 1, sc, g, before[i]));
                let r = choose|r: int|
                    0 <= r < n - 1 && #[trigger] row_gives(shape, world, a, r, sc, g, before[i]);
                assert(row_gives(shape, world, a, r, sc, g, items[i]));
            } else {
                assert(row_gives(shape, world, a, n - 1, sc, g, items[i]));
            }
        }
        assert forall|r: int|
            0 <= r < n && shape.passes(
                world.entities[#[trigger] world.archetypes[a].entities[r]],
                sc,
                g,
            ) implies items.contains(
            shape.item(
                world.archetypes[a].entities[r],
                world.entities[world.archetypes[a].entities[r]],
            ),
        ) by {
            let wanted = shape.item(
                world.archetypes[a].entities[r],
                world.entities[world.archetypes[a].entities[r]],
            );
            if r < n - 1 {
                assert(before.contains(wanted));
                let i = choose|i: int| 0 <= i < before.len() && before[i] == wanted;
                assert(items[i] == wanted);
            } else {
                assert(items[items.len() - 1] == wanted);
            }
        }
        assert forall|i: int, j: int| 0 <= i < j < items.len() implies (#[trigger] items[i]).entity
            != (#[trigger] items[j]).entity by {
            if j < before.len() {
                assert(before[i].entity != before[j].entity);
            } else {
                assert(from_rows(shape, world, a, n - 1, sc, g, before[i]));
                let r = choose|r: int|
                    0 <= r < n - 1 && #[trigger] row_gives(shape, world, a, r, sc, g, before[i]);
                let other = world.archetypes[a].entities[r];
                assert(world.locations[other].index == r);
                assert(world.locations[entity].index == n - 1);
            }
        }
    }
}

/// The items of the first `n` archetypes are the items of the entities
/// in the rows of those of them that the query matches, as far as the
/// entities meet the conditions on their counters, each once.
pub proof fn lemma_items_are_the_passing(
    shape: QueryShape,
    world: WorldView,
    n: int,
    system_counter: u32,
    global_system_counter: u32,
)
    requires
        world.wf(),
        0 <= n <= world.archetypes.len(),
    ensures
        forall|i: int|
            0 <= i < shape.items(world, n, system_counter, global_system_counter).len()
                ==> from_archetypes(
                shape,
                world,
                n,
                system_counter,
                global_system_counter,
                #[trigger] shape.items(world, n, system_counter, global_system_counter)[i],
            ),
        forall|a: int, r: int|
            0 <= a < n && shape.matches(world.archetypes[a].components) && 0 <= r
                < world.archetypes[a].entities.len() && shape.passes(
                world.entities[#[trigger] world.archetypes[a].entities[r]],
                system_counter,
                global_system_counter,
            ) ==> shape.items(world, n, system_counter, global_system_counter).contains(
                shape.item(
                    world.archetypes[a].entities[r],
                    world.entities[world.archetypes[a].entities[r]],
                ),
            ),
        forall|i: int, j: int|
            0 <= i < j < shape.items(world, n, system_counter, global_system_counter).len() ==> (
            #[trigger] shape.items(world, n, system_counter, global_system_counter)[i]).entity != (
            #[trigger] shape.items(world, n, system_counter, global_system_counter)[j]).entity,
    decreases n,
{
    let sc = system_counter;
    let g = global_system_counter;
    let items = shape.items(world, n, sc, g);
    if n > 0 {
        lemma_items_are_the_passing(shape, world, n - 1, sc, g);
        let a = n - 1;
        let rows = world.archetypes[a].entities.len() as int;
        lemma_row_items_are_the_passing(shape, world, a, rows, sc, g);
        let before = shape.items(world, n - 1, sc, g);
        let here = shape.archetype_items(world, a, sc, g);
        let matches = shape.matches(world.archetypes[a].components);
        assert(items == before + here);
        assert(here == (if matches {
            shape.row_items(world, a, rows, sc, g)
        } else {
            Seq::empty()
        }));
        assert forall|i: int| 0 <= i < items.len() implies from_archetypes(
            shape,
            world,
            n,
            sc,
            g,
            #[trigger] items[i],
        ) by {
            if i < before.len() {
                assert(items[i] == before[i]);
                assert(from_archetypes(shape, world, n - 1, sc, g, before[i]));
                let x = choose|x: int|
                    0 <= x < n - 1 && shape.matches(world.archetypes[x].components)
                        && #[trigger] from_rows(
                        shape,
                        world,
                        x,
                        world.archetypes[x].entities.len() as int,
                        sc,
                        g,
                        before[i],
                    );
                assert(from_rows(
                    shape,
                    world,
                    x,
                    world.archetypes[x].entities.len() as int,
                    sc,
                    g,
                    items[i],
                ));
            } else {
                assert(items[i] == here[i - before.len()]);
                assert(from_rows(shape, world, a, rows, sc, g, items[i]));
            }
        }
        assert forall|x: int, r: int|
            0 <= x < n && shape.matches(world.archetypes[x].components) && 0 <= r
                < world.archetypes[x].entities.len() && shape.passes(
                world.entities[#[trigger] world.archetypes[x].entities[r]],
                sc,
                g,
            ) implies items.contains(
            shape.item(
                world.archetypes[x].entities[r],
                world.entities[world.archetypes[x].entities[r]],
            ),
        ) by {
            let wanted = shape.item(
                world.archetypes[x].entities[r],
                world.entities[world.archetypes[x].entities[r]],
            );
            if x < n - 1 {
                assert(before.contains(wanted));
                let i = choose|i: int| 0 <= i < before.len() && before[i] == wanted;
                assert(items[i] == wanted);
            } else {
                assert(here.contains(wanted));
                let i = choose|i: int| 0 <= i < here.len() && here[i] == wanted;
                assert(items[before.len() + i] == wanted);
            }
        }
        assert forall|i: int, j: int| 0 <= i < j < items.len() implies (#[trigger] items[i]).entity
            != (#[trigger] items[j]).entity by {
            if j < before.len() {
                assert(before[i].entity != before[j].entity);
            } else if i >= before.len() {
                assert(here[i - before.len()].entity != here[j - before.len()].entity);
            } else {
                assert(items[i] == before[i]);
                assert(items[j] == here[j - before.len()]);
                assert(from_archetypes(shape, world, n - 1, sc, g, before[i]));
                let x = choose|x: int|
                    0 <= x < n - 1 && shape.matches(world.archetypes[x].components)
                        && #[trigger] from_rows(
                        shape,
                        world,
                        x,
                        world.archetypes[x].entities.len() as int,
                        sc,
                        g,
                        before[i],
                    );
                let r = choose|r: int|
                    0 <= r < world.archetypes[x].entities.len() && #[trigger] row_gives(
                        shape,
                        world,
                        x,
                        r,
                        sc,
                        g,
                        before[i],
                    );
                assert(from_rows(shape, world, a, rows, sc, g, here[j - before.len()]));
                let k = choose|k: int|
                    0 <= k < rows && #[trigger] row_gives(
                        shape,
                        world,
                        a,
                        k,
                        sc,
                        g,
                        here[j - before.len()],
                    );
                let one = world.archetypes[x].entities[r];
                let other = world.archetypes[a].entities[k];
                assert(world.locations[one].archetype_id == x);
                assert(world.locations[other].archetype_id == a);
            }
        }
    }
}

/// The items of a query over the whole store are the items of the
/// entities that the query selects: every selected entity has its item
/// among them, every item is that of a selected entity, and no entity
/// has two.
pub proof fn lemma_items_are_the_selected(
    shape: QueryShape,
    world: WorldView,
    system_counter: u32,
    global_system_counter: u32,
)
    requires
        world.wf(),
    ensures
        ({
            let items = shape.items(
                world,
                world.archetypes.len() as int,
                system_counter,
                global_system_counter,
            );
            &&& forall|entity: Entity| #[trigger]
                shape.selects(world, entity, system_counter, global_system_counter)
                    ==> items.contains(shape.item(entity, world.entities[entity]))
            &&& forall|i: int|
                0 <= i < items.len() ==> shape.selects(
                    world,
                    (#[trigger] items[i]).entity,
                    system_counter,
                    global_system_counter,
                ) && items[i] == shape.item(items[i].entity, world.entities[items[i].entity])
            &&& forall|i: int, j: int|
                0 <= i < j < items.len() ==> (#[trigger] items[i]).entity != (
                #[trigger] items[j]).entity
        }),
{
    let sc = system_counter;
    let g = global_system_counter;
    let n = world.archetypes.len() as int;
    let items = shape.items(world, n, sc, g);
    lemma_items_are_the_passing(shape, world, n, sc, g);
    assert forall|entity: Entity| #[trigger] shape.selects(world, entity, sc, g)
        implies items.contains(
        shape.item(entity, world.entities[entity]),
    ) by {
        assert(world.locations.contains_key(entity));
        let home = world.locations[entity];
        let a = home.archetype_id as int;
        let r = home.index as int;
        assert(world.archetypes[a].entities[r] == entity);
    }
    assert forall|i: int| 0 <= i < items.len() implies shape.selects(
        world,
        (#[trigger] items[i]).entity,
        sc,
        g,
    ) && items[i] == shape.item(items[i].entity, world.entities[items[i].entity]) by {
        assert(from_archetypes(shape, world, n, sc, g, items[i]));
        let a = choose|a: int|
            0 <= a < n && shape.matches(world.archetypes[a].components) && #[trigger] from_rows(
                shape,
                world,
                a,
                world.archetypes[a].entities.len() as int,
                sc,
                g,
                items[i],
            );
        let r = choose|r: int|
            0 <= r < world.archetypes[a].entities.len() && #[trigger] row_gives(
                shape,
                world,
                a,
                r,
                sc,
                g,
                items[i],
            );
        let entity = world.archetypes[a].entities[r];
        assert(world.locations.contains_key(entity));
        assert(world.locations[entity].archetype_id == a);
    }
}

/// A query for entities whose component of type `c` was added, or was
/// added or written, since the system last ran yields a live entity
/// that holds the component exactly when the counter in question is
/// newer than the counter of the system, as seen from the global
/// counter that the system runs at, and then yields it once.
pub proof fn lemma_changed_query_yields(
    world: WorldView,
    entity: Entity,
    c: ComponentId,
    added_only: bool,
    system_counter: u32,
    global_system_counter: u32,
)
    requires
        world.wf(),
        world.has(entity, c),
    ensures
        ({
            let shape = QueryShape {
                fetches: seq![Fetch::Entity],
                filters: seq![if added_only {
                    Filter::Added(c)
                } else {
                    Filter::Changed(c)
                }],
            };
            let items = shape.items(
                world,
                world.archetypes.len() as int,
                system_counter,
                global_system_counter,
            );
            let counters = world.entities[entity][c].counters;
            let newer = if added_only {
                counters.added_since(system_counter, global_system_counter)
            } else {
                counters.changed_since(system_counter, global_system_counter)
            };
            &&& newer ==> items.contains(shape.item(entity, world.entities[entity]))
            &&& !newer ==> forall|i: int| 0 <= i < items.len()
                ==> (#[trigger] items[i]).entity != entity
            &&& forall|i: int, j: int|
                0 <= i < j < items.len() ==> (#[trigger] items[i]).entity != (
                #[trigger] items[j]).entity
        }),
{
    let filter = if added_only {
        Filter::Added(c)
    } else {
        Filter::Changed(c)
    };
    let shape = QueryShape { fetches: seq![Fetch::Entity], filters: seq![filter] };
    let sc = system_counter;
    let g = global_system_counter;
    let cells = world.entities[entity];
    let newer = if added_only {
        cells[c].counters.added_since(sc, g)
    } else {
        cells[c].counters.changed_since(sc, g)
    };
    lemma_items_are_the_selected(shape, world, sc, g);
    assert(world.locations.contains_key(entity));
    let components = world.archetypes[world.locations[entity].archetype_id as int].components;
    assert(components.to_set().contains(c));
    assert(shape.uses().len() == 2);
    assert(shape.uses()[0] == Fetch::Entity.term_use());
    assert(shape.uses()[1] == Some(filter.term_use()));
    assert(shape.matches(components));
    assert(shape.filters[0] == filter);
    assert(shape.passes(cells, sc, g) == newer);
    assert(shape.selects(world, entity, sc, g) == newer);
}

/// The command is one on the component of type `c` of the entity `e`,
/// or removes the entity.
pub open spec fn concerns(command: Command, e: Entity, c: ComponentId) -> bool {
    match command {
        Command::Insert { entity, component_id, .. } => entity == e && component_id == c,
        Command::Remove { entity, component_id } => entity == e && component_id == c,
        Command::Despawn { entity } => entity == e,
    }
}

/// The last of the first `n` commands that concerns the component of
/// type `c` of the entity `e`.
pub open spec fn last_on(commands: Seq<Command>, n: int, e: Entity, c: ComponentId) -> Option<
    Command,
>
    decreases n,
{
    if n <= 0 {
        None
    } else if concerns(commands[n - 1], e, c) {
        Some(commands[n - 1])
    } else {
        last_on(commands, n - 1, e, c)
    }
}

/// The store that shows `world` does not refuse the command.
pub open spec fn carried_out(world: WorldView, command: Command) -> bool {
    match command {
        Command::Insert { entity, component_id, value } => world.insert_result(
            entity,
            map![component_id => value],
        ).is_ok(),
        Command::Remove { entity, component_id } => world.remove_result(
            entity,
            component_id,
        ).is_ok(),
        Command::Despawn { entity } => true,
    }
}

/// None of the first `n` commands removes the entity `e`, and those of
/// them that insert or remove its component of type `c` are not
/// refused by the store as it is when their turn comes.
pub open spec fn operations_apply(
    world: WorldView,
    commands: Seq<Command>,
    n: int,
    e: Entity,
    c: ComponentId,
) -> bool {
    forall|k: int|
        0 <= k < n && concerns(#[trigger] commands[k], e, c) ==> !(commands[k] is Despawn)
            && carried_out(apply_commands(world, commands, k), commands[k])
}

/// After any sequence of insertions, removals and removals of other
/// entities, whether a live entity holds a component, and with which
/// value, is decided by the last insertion or removal of that component
/// of that entity: the value inserted, nothing after a removal, and
/// what it was where there was neither. What is registered stays.
pub proof fn lemma_last_operation_decides(
    world: WorldView,
    commands: Seq<Command>,
    n: int,
    e: Entity,
    c: ComponentId,
)
    requires
        world.contains(e),
        0 <= n <= commands.len(),
        operations_apply(world, commands, n, e, c),
    ensures
        ({
            let after = apply_commands(world, commands, n);
            &&& after.contains(e)
            &&& after.registry == world.registry
            &&& match last_on(commands, n, e, c) {
                Some(Command::Insert { value, .. }) => after.has(e, c) && after.entities[e][c].value
                    == value,
                Some(Command::Remove { .. }) => !after.has(e, c),
                _ => after.has(e, c) == world.has(e, c) && (world.has(e, c) ==> after.entities[e][c]
                    == world.entities[e][c]),
            }
        }),
    decreases n,
{
    if n > 0 {
        assert(operations_apply(world, commands, n - 1, e, c)) by {
            assert forall|k: int| 0 <= k < n - 1 && concerns(#[trigger] commands[k], e, c)
                implies !(
            commands[k] is Despawn) && carried_out(
                apply_commands(world, commands, k),
                commands[k],
            ) by {}
        }
        lemma_last_operation_decides(world, commands, n - 1, e, c);
        let before = apply_commands(world, commands, n - 1);
        let command = commands[n - 1];
        let after = command.apply(before);
        assert(after == apply_commands(world, commands, n));
        if concerns(command, e, c) {
            assert(carried_out(before, command));
        }
        match command {
            Command::Insert { entity, component_id, value } => {
                let bundle = map![component_id => value];
                if before.insert_result(entity, bundle).is_ok() {
                    assert(after.entities == before.entities.insert(
                        entity,
                        before.with_bundle(entity, bundle),
                    ));
                }
            },
            Command::Remove { entity, component_id } => {
                if before.remove_result(entity, component_id) matches Ok(Some(_)) {
                    assert(after.entities == before.entities.insert(
                        entity,
                        before.entities[entity].remove(component_id),
                    ));
                }
            },
            Command::Despawn { entity } => {},
        }
    }
}

/// After any sequence of insertions and removals, a direct query that
/// reads the component answers with the value last inserted, or that
/// the component is missing where it was last removed or never
/// inserted: the answer depends on nothing but the components that the
/// entity holds now.
pub proof fn lemma_get_component_after_operations(
    world: WorldView,
    commands: Seq<Command>,
    e: Entity,
    type_id: u64,
    access: AccessView,
)
    requires
        world.contains(e),
        id_of(world.registry, type_id).is_some(),
        operations_apply(
            world,
            commands,
            commands.len() as int,
            e,
            id_of(world.registry, type_id).unwrap(),
        ),
        access.has_read(
            apply_commands(world, commands, commands.len() as int).access_id(
                e,
                id_of(world.registry, type_id).unwrap(),
            ),
        ),
    ensures
        ({
            let c = id_of(world.registry, type_id).unwrap();
            let after = apply_commands(world, commands, commands.len() as int);
            component_result(after, access, e, type_id, false) == (match last_on(
                commands,
                commands.len() as int,
                e,
                c,
            ) {
                Some(Command::Insert { value, .. }) => Ok::<u64, QueryComponentError>(value),
                Some(Command::Remove { .. }) => Err::<u64, QueryComponentError>(
                    QueryComponentError::MissingComponent,
                ),
                _ => if world.has(e, c) {
                    Ok::<u64, QueryComponentError>(world.entities[e][c].value)
                } else {
                    Err::<u64, QueryComponentError>(QueryComponentError::MissingComponent)
                },
            })
        }),
{
    let c = id_of(world.registry, type_id).unwrap();
    lemma_last_operation_decides(world, commands, commands.len() as int, e, c);
}

/// The storage strategies of the component types are not observed over
/// any sequence of insertions, removals and removals of entities: two
/// stores that differ in nothing else differ in nothing else
/// afterwards, and yield the same query items.
pub proof fn lemma_storage_is_not_observed_by_commands(
    one: WorldView,
    other: WorldView,
    commands: Seq<Command>,
    n: int,
    shape: QueryShape,
    system_counter: u32,
    global_system_counter: u32,
)
    requires
        one.registry.len() == other.registry.len(),
        forall|i: int|
            0 <= i < one.registry.len() ==> (#[trigger] one.registry[i]).type_id
                == other.registry[i].type_id,
        other == (WorldView { registry: other.registry, ..one }),
        0 <= n <= commands.len(),
    ensures
        apply_commands(one, commands, n).registry == one.registry,
        apply_commands(other, commands, n) == (WorldView {
            registry: other.registry,
            ..apply_commands(one, commands, n)
        }),
        forall|m: int|
            0 <= m <= apply_commands(one, commands, n).archetypes.len() ==> #[trigger] shape.items(
                apply_commands(other, commands, n),
                m,
                system_counter,
                global_system_counter,
            ) == shape.items(
                apply_commands(one, commands, n),
                m,
                system_counter,
                global_system_counter,
            ),
    decreases n,
{
    let sc = system_counter;
    let g = global_system_counter;
    if n > 0 {
        lemma_storage_is_not_observed_by_commands(one, other, commands, n - 1, shape, sc, g);
        let first = apply_commands(one, commands, n - 1);
        let second = apply_commands(other, commands, n - 1);
        let command = commands[n - 1];
        match command {
            Command::Insert { entity, component_id, value } => {
                lemma_storage_is_not_observed(
                    first,
                    second,
                    entity,
                    map![component_id => value],
                    component_id,
                    shape,
                    sc,
                    g,
                );
            },
            Command::Remove { entity, component_id } => {
                lemma_storage_is_not_observed(
                    first,
                    second,
                    entity,
                    map![component_id => 0u64],
                    component_id,
                    shape,
                    sc,
                    g,
                );
            },
            Command::Despawn { entity } => {},
        }
    }
    let left = apply_commands(one, commands, n);
    let right = apply_commands(other, commands, n);
    assert(right == (WorldView { registry: other.registry, ..left }));
    assert forall|m: int| 0 <= m <= left.archetypes.len() implies #[trigger] shape.items(
        right,
        m,
        sc,
        g,
    ) == shape.items(left, m, sc, g) by {
        lemma_items_alike(shape, left, right, m, sc, g);
    }
}

} // verus!
