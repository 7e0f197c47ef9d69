//! Writes to components that are asked for by value: through the write
//! access of a query, and recorded at a given global counter.

use vstd::prelude::*;
use crate::component::ComponentId;
use crate::entity::Entity;
use crate::query::access::AccessView;
use crate::query::shape::{items_view, QueryItem, QueryItemView, QueryShape};
use crate::world::WorldView;

verus! {

/// A change of the store that touched nothing but cells and counters:
/// what is registered, the archetypes and the place of every entity are
/// as they were.
pub open spec fn same_placement(before: WorldView, after: WorldView) -> bool {
    &&& after.registry == before.registry
    &&& after.archetypes == before.archetypes
    &&& after.locations == before.locations
    &&& after.access_ids_issued == before.access_ids_issued
    &&& after.generations == before.generations
    &&& after.free_indices == before.free_indices
    &&& after.entities.dom() == before.entities.dom()
    &&& forall|e: crate::entity::Entity| #[trigger]
        before.entities.contains_key(e) ==> after.entities[e].dom() == before.entities[e].dom()
}

/// A write that is asked for: the value for a component of an entity,
/// through the write access of one of a list of queries.
#[derive(Copy, Clone, Debug, PartialEq, Eq, Structural)]
pub struct ComponentWrite {
    pub query: usize,
    pub entity: Entity,
    pub component_id: ComponentId,
    pub value: u64,
}

/// The write is carried out: its query exists, the entity holds the
/// component, and the query has write access to that component of the
/// entity's archetype.
pub open spec fn write_applies(world: WorldView, accesses: Seq<AccessView>,
    write: ComponentWrite) -> bool {
    &&& write.query < accesses.len()
    &&& world.has(write.entity, write.component_id)
    &&& accesses[write.query as int].has_write(world.access_id(write.entity, write.component_id))
}

/// The view of the store after a write was carried out, or refused, at
/// the global counter `tick`.
pub open spec fn apply_write(
    world: WorldView,
    accesses: Seq<AccessView>,
    write: ComponentWrite,
    tick: u32,
) -> WorldView {
    if write_applies(world, accesses, write) {
        world.with_cell(
            write.entity,
            write.component_id,
            world.entities[write.entity][write.component_id].written(write.value, tick),
        )
    } else {
        world
    }
}

/// The view of the store after the first `n` writes, in order.
pub open spec fn apply_writes(
    world: WorldView,
    accesses: Seq<AccessView>,
    writes: Seq<ComponentWrite>,
    n: int,
    tick: u32,
) -> WorldView
    decreases n,
{
    if n <= 0 {
        world
    } else {
        apply_write(apply_writes(world, accesses, writes, n - 1, tick), accesses, writes[n - 1],
            tick)
    }
}

/// How many of the first `n` writes are refused.
pub open spec fn refused_writes(
    world: WorldView,
    accesses: Seq<AccessView>,
    writes: Seq<ComponentWrite>,
    n: int,
    tick: u32,
) -> nat
    decreases n,
{
    if n <= 0 {
        0
    } else {
        let before = refused_writes(world, accesses, writes, n - 1, tick);
        if write_applies(apply_writes(world, accesses, writes, n - 1, tick), accesses,
            writes[n - 1]) {
            before
        } else {
            before + 1
        }
    }
}

/// A write changes cells only.
pub proof fn lemma_write_same_placement(
    world: WorldView,
    accesses: Seq<AccessView>,
    write: ComponentWrite,
    tick: u32,
)
    ensures
        same_placement(world, apply_write(world, accesses, write, tick)),
        apply_write(world, accesses, write, tick).extends(world),
        apply_write(world, accesses, write, tick).global_system_counter
            == world.global_system_counter,
        apply_write(world, accesses, write, tick).exclusive_system_counter
            == world.exclusive_system_counter,
{
    let after = apply_write(world, accesses, write, tick);
    if write_applies(world, accesses, write) {
        assert(after.entities.dom() =~= world.entities.dom());
        assert forall|e: Entity| #[trigger] world.entities.contains_key(e)
            implies after.entities[e].dom()
            == world.entities[e].dom() by {
            assert(after.entities[e].dom() =~= world.entities[e].dom());
        }
    }
}

/// Writes change cells only.
pub proof fn lemma_writes_same_placement(
    world: WorldView,
    accesses: Seq<AccessView>,
    writes: Seq<ComponentWrite>,
    n: int,
    tick: u32,
)
    ensures
        same_placement(world, apply_writes(world, accesses, writes, n, tick)),
        apply_writes(world, accesses, writes, n, tick).extends(world),
        apply_writes(world, accesses, writes, n, tick).global_system_counter
            == world.global_system_counter,
        apply_writes(world, accesses, writes, n, tick).exclusive_system_counter
            == world.exclusive_system_counter,
    decreases n,
{
    if n > 0 {
        lemma_writes_same_placement(world, accesses, writes, n - 1, tick);
        lemma_write_same_placement(
            apply_writes(world, accesses, writes, n - 1, tick),
            accesses,
            writes[n - 1],
            tick,
        );
    }
}

/// The write that the answer `out` to an item asks for through the fetch
/// term at place `j`: the term fetches for writing and the answer holds
/// a value at its place.
pub open spec fn term_write(
    shape: QueryShape,
    item: QueryItemView,
    out: Seq<Option<u64>>,
    j: int,
) -> Option<ComponentWrite> {
    if shape.fetches[j].writes() && j < out.len() && out[j].is_some() {
        Some(
            ComponentWrite {
                query: 0,
                entity: item.entity,
                component_id: shape.fetches[j].component().unwrap(),
                value: out[j].unwrap(),
            },
        )
    } else {
        None
    }
}

/// The view of the store after the writes that an answer asks for
/// through the first `n` fetch terms.
pub open spec fn after_item(
    world: WorldView,
    access: AccessView,
    shape: QueryShape,
    item: QueryItemView,
    out: Seq<Option<u64>>,
    n: int,
    tick: u32,
) -> WorldView
    decreases n,
{
    if n <= 0 {
        world
    } else {
        let before = after_item(world, access, shape, item, out, n - 1, tick);
        match term_write(shape, item, out, n - 1) {
            Some(write) => apply_write(before, seq![access], write, tick),
            None => before,
        }
    }
}

/// The view of the store after the writes that the answers to the first
/// `m` items ask for, item by item.
pub open spec fn after_items(
    world: WorldView,
    access: AccessView,
    shape: QueryShape,
    items: Seq<QueryItemView>,
    outs: Seq<Vec<Option<u64>>>,
    m: int,
    tick: u32,
) -> WorldView
    decreases m,
{
    if m <= 0 {
        world
    } else {
        after_item(
            after_items(world, access, shape, items, outs, m - 1, tick),
            access,
            shape,
            items[m - 1],
            outs[m - 1]@,
            shape.fetches.len() as int,
            tick,
        )
    }
}

/// `items` are the items of the query over the first `n` archetypes of
/// `before`, `outs` are answers of `f` to them, one each, and `after` is
/// what the writes that the answers ask for make of `before`.
pub open spec fn answered_by<F: Fn(&QueryItem) -> Vec<Option<u64>>>(
    f: F,
    before: WorldView,
    after: WorldView,
    access: AccessView,
    shape: QueryShape,
    n: int,
    system_counter: u32,
    global_system_counter: u32,
    items: Seq<QueryItem>,
    outs: Seq<Vec<Option<u64>>>,
) -> bool {
    &&& items_view(items) == shape.items(before, n, system_counter, global_system_counter)
    &&& outs.len() == items.len()
    &&& forall|i: int| 0 <= i < items.len() ==> f.ensures((&items[i],), #[trigger] outs[i])
    &&& after == after_items(
        before,
        access,
        shape,
        items_view(items),
        outs,
        items.len() as int,
        global_system_counter,
    )
}

/// The writes that an answer asks for change cells only.
pub proof fn lemma_after_item_same_placement(
    world: WorldView,
    access: AccessView,
    shape: QueryShape,
    item: QueryItemView,
    out: Seq<Option<u64>>,
    n: int,
    tick: u32,
)
    ensures
        same_placement(world, after_item(world, access, shape, item, out, n, tick)),
        after_item(world, access, shape, item, out, n, tick).extends(world),
        after_item(world, access, shape, item, out, n, tick).global_system_counter
            == world.global_system_counter,
        after_item(world, access, shape, item, out, n, tick).exclusive_system_counter
            == world.exclusive_system_counter,
    decreases n,
{
    if n > 0 {
        lemma_after_item_same_placement(world, access, shape, item, out, n - 1, tick);
        let before = after_item(world, access, shape, item, out, n - 1, tick);
        match term_write(shape, item, out, n - 1) {
            Some(write) => {
                lemma_write_same_placement(before, seq![access], write, tick);
            },
            None => {},
        }
    }
}

/// The writes that answers ask for change cells only.
pub proof fn lemma_after_items_same_placement(
    world: WorldView,
    access: AccessView,
    shape: QueryShape,
    items: Seq<QueryItemView>,
    outs: Seq<Vec<Option<u64>>>,
    m: int,
    tick: u32,
)
    ensures
        same_placement(world, after_items(world, access, shape, items, outs, m, tick)),
        after_items(world, access, shape, items, outs, m, tick).extends(world),
        after_items(world, access, shape, items, outs, m, tick).global_system_counter
            == world.global_system_counter,
        after_items(world, access, shape, items, outs, m, tick).exclusive_system_counter
            == world.exclusive_system_counter,
    decreases m,
{
    if m > 0 {
        lemma_after_items_same_placement(world, access, shape, items, outs, m - 1, tick);
        lemma_after_item_same_placement(
            after_items(world, access, shape, items, outs, m - 1, tick),
            access,
            shape,
            items[m - 1],
            outs[m - 1]@,
            shape.fetches.len() as int,
            tick,
        );
    }
}

} // verus!
