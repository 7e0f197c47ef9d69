//! Direct queries: a query state together with the store that it runs on.

use vstd::prelude::*;
use crate::component::{id_of, Stored};
use crate::entity::Entity;
use crate::query::access::AccessView;
use crate::query::shape::{items_view, QueryItem, QueryShape};
use crate::query::state::{QueryEntityError, QueryState};
use crate::query::write::answered_by;
use crate::world::{Mut, World, WorldView};

verus! {

/// Why a direct query could not hand out a component.
#[derive(Copy, Clone, Debug, PartialEq, Eq, Structural)]
pub enum QueryComponentError {
    /// The query does not read the component.
    MissingReadAccess,
    /// The query does not write the component.
    MissingWriteAccess,
    /// The entity does not hold a component of the type, or the type is
    /// not registered.
    MissingComponent,
    /// The handle does not name a live entity.
    NoSuchEntity,
}

/// What a direct query answers when it is asked for the component of
/// type `type_id` of an entity, for reading or, if `write` is set, for
/// writing: the value, or why there is none.
pub open spec fn component_result(
    world: WorldView,
    access: AccessView,
    entity: Entity,
    type_id: u64,
    write: bool,
) -> Result<u64, QueryComponentError> {
    if !world.contains(entity) {
        Err(QueryComponentError::NoSuchEntity)
    } else {
        match id_of(world.registry, type_id) {
            None => Err(QueryComponentError::MissingComponent),
            Some(c) => if !world.entities[entity].contains_key(c) {
                Err(QueryComponentError::MissingComponent)
            } else if write {
                if access.has_write(world.access_id(entity, c)) {
                    Ok(world.entities[entity][c].value)
                } else {
                    Err(QueryComponentError::MissingWriteAccess)
                }
            } else {
                if access.has_read(world.access_id(entity, c)) {
                    Ok(world.entities[entity][c].value)
                } else {
                    Err(QueryComponentError::MissingReadAccess)
                }
            },
        }
    }
}

/// A query that owns its state and holds the store for as long as it
/// lives. It is meant for one-time queries on the store.
pub struct DirectQuery<'w> {
    pub world: &'w mut World,
    pub state: QueryState,
    pub system_counter: u32,
    pub global_system_counter: u32,
}

impl<'w> DirectQuery<'w> {
    /// The query is set up for the store that it holds and has seen all
    /// of its archetypes.
    pub open spec fn wf(&self) -> bool {
        &&& self.world.wf()
        &&& self.state.valid_for(self.world@)
        &&& self.state.generation() == self.world@.archetypes.len()
    }

    /// The store as the query sees it.
    pub open spec fn view(&self) -> WorldView {
        self.world@
    }

    /// What the query asks for.
    pub open spec fn shape(&self) -> QueryShape {
        self.state.shape()
    }

    /// A direct query on the store, on behalf of a system that last ran
    /// at `system_counter` and runs at `global_system_counter`.
    pub fn new(
        world: &'w mut World,
        state: QueryState,
        system_counter: u32,
        global_system_counter: u32,
    ) -> (query: DirectQuery<'w>)
        requires
            old(world).wf(),
            state.valid_for(old(world)@),
        ensures
            query.wf(),
            query@ == old(world)@,
            query.shape() == state.shape(),
            query.system_counter == system_counter,
            query.global_system_counter == global_system_counter,
            *final(query.world) == *final(world),
    {
        let mut state = state;
        state.update_archetypes(world);
        DirectQuery { world, state, system_counter, global_system_counter }
    }

    /// The items of the query: archetypes in order of creation, the
    /// entities of each in row order.
    pub fn iter(&self) -> (items: Vec<QueryItem>)
        requires
            self.wf(),
        ensures
            items_view(items@) == self.shape().items(
                self@,
                self@.archetypes.len() as int,
                self.system_counter,
                self.global_system_counter,
            ),
    {
        self.state.iter_manual(&*self.world, self.system_counter, self.global_system_counter)
    }

    /// What `f` makes of each item of the query, in the order of the items.
    pub fn for_each<T, F: Fn(&QueryItem) -> T>(&self, f: F) -> (results: Vec<T>)
        requires
            self.wf(),
            forall|item: &QueryItem| #[trigger] f.requires((item,)),
        ensures
            exists|items: Seq<QueryItem>|
                {
                    &&& #[trigger] items_view(items) == self.shape().items(
                        self@,
                        self@.archetypes.len() as int,
                        self.system_counter,
                        self.global_system_counter,
                    )
                    &&& results@.len() == items.len()
                    &&& forall|i: int|
                        0 <= i < items.len() ==> f.ensures((&items[i],), #[trigger] results@[i])
                },
    {
        let items = self.iter();
        let mut results: Vec<T> = Vec::new();
        let mut i: usize = 0;
        while i < items.len()
            invariant
                i <= items@.len(),
                forall|item: &QueryItem| #[trigger] f.requires((item,)),
                results@.len() == i,
                forall|j: int| 0 <= j < i ==> f.ensures((&items@[j],), #[trigger] results@[j]),
            decreases items@.len() - i,
        {
            let result = f(&items[i]);
            results.push(result);
            i += 1;
        }
        proof {
            assert(items_view(items@) == self.shape().items(
                self@,
                self@.archetypes.len() as int,
                self.system_counter,
                self.global_system_counter,
            ));
        }
        results
    }

    /// What `f` makes of each item of the query, in the order of the
    /// items. The rows are visited in batches of at most `batch_size`
    /// rows; no two batches share a row, so that a caller with worker
    /// threads may hand each batch of [`QueryState::batches`] to a worker
    /// of its own. Here the batches are visited one after the other.
    pub fn par_for_each<T, F: Fn(&QueryItem) -> T>(&self, batch_size: usize,
        f: F) -> (results: Vec<T>)
        requires
            self.wf(),
            batch_size > 0,
            forall|item: &QueryItem| #[trigger] f.requires((item,)),
        ensures
            exists|items: Seq<QueryItem>|
                {
                    &&& #[trigger] items_view(items) == self.shape().items(
                        self@,
                        self@.archetypes.len() as int,
                        self.system_counter,
                        self.global_system_counter,
                    )
                    &&& results@.len() == items.len()
                    &&& forall|i: int|
                        0 <= i < items.len() ==> f.ensures((&items[i],), #[trigger] results@[i])
                },
    {
        let items = self.state.batched_items(
            &*self.world,
            batch_size,
            self.system_counter,
            self.global_system_counter,
        );
        let mut results: Vec<T> = Vec::new();
        let mut i: usize = 0;
        while i < items.len()
            invariant
                i <= items@.len(),
                forall|item: &QueryItem| #[trigger] f.requires((item,)),
                results@.len() == i,
                forall|j: int| 0 <= j < i ==> f.ensures((&items@[j],), #[trigger] results@[j]),
            decreases items@.len() - i,
        {
            let result = f(&items[i]);
            results.push(result);
            i += 1;
        }
        proof {
            assert(items_view(items@) == self.shape().items(
                self@,
                self@.archetypes.len() as int,
                self.system_counter,
                self.global_system_counter,
            ));
        }
        results
    }

    /// The items of the query, for a query that fetches for writing as
    /// for one that does not: the items hold values, and writes are made
    /// through [`DirectQuery::for_each_mut`] or
    /// [`DirectQuery::get_component_mut`].
    pub fn iter_mut(&mut self) -> (items: Vec<QueryItem>)
        requires
            old(self).wf(),
        ensures
            *final(self) == *old(self),
            items_view(items@) == old(self).shape().items(
                old(self)@,
                old(self)@.archetypes.len() as int,
                old(self).system_counter,
                old(self).global_system_counter,
            ),
    {
        self.iter()
    }

    /// The item of one entity, for a query that fetches for writing as
    /// for one that does not.
    pub fn get_mut(&mut self, entity: Entity) -> (r: Result<QueryItem, QueryEntityError>)
        requires
            old(self).wf(),
        ensures
            *final(self) == *old(self),
            !old(self)@.contains(entity) ==> r == Err::<QueryItem, QueryEntityError>(
                QueryEntityError::NoSuchEntity,
            ),
            old(self)@.contains(entity) && !old(self).shape().selects(
                old(self)@,
                entity,
                old(self).system_counter,
                old(self).global_system_counter,
            ) ==> r == Err::<QueryItem, QueryEntityError>(QueryEntityError::NoMatch),
            old(self).shape().selects(
                old(self)@,
                entity,
                old(self).system_counter,
                old(self).global_system_counter,
            ) ==> (r matches Ok(item) && item@ == old(self).shape().item(
                entity,
                old(self)@.entities[entity],
            )),
    {
        self.get(entity)
    }

    /// As [`DirectQuery::for_each_mut`], with the items gathered batch by
    /// batch, in batches of at most `batch_size` rows.
    pub fn par_for_each_mut<F: Fn(&QueryItem) -> Vec<Option<u64>>>(&mut self, batch_size: usize,
        f: F)
        requires
            old(self).wf(),
            batch_size > 0,
            forall|item: &QueryItem| #[trigger] f.requires((item,)),
        ensures
            final(self).wf(),
            final(self).state == old(self).state,
            final(self).system_counter == old(self).system_counter,
            final(self).global_system_counter == old(self).global_system_counter,
            *final(final(self).world) == *final(old(self).world),
            exists|items: Seq<QueryItem>, outs: Seq<Vec<Option<u64>>>| #[trigger]
                answered_by(
                    f,
                    old(self)@,
                    final(self)@,
                    old(self).state.access(),
                    old(self).shape(),
                    old(self)@.archetypes.len() as int,
                    old(self).system_counter,
                    old(self).global_system_counter,
                    items,
                    outs,
                ),
    {
        let system_counter: u32 = self.system_counter;
        let global_system_counter: u32 = self.global_system_counter;
        let ghost n = self.state.generation() as int;
        self.state.par_for_each_mut_manual(
            self.world,
            batch_size,
            f,
            system_counter,
            global_system_counter,
        );
        proof {
            let (items, outs) = choose|items: Seq<QueryItem>,
                outs: Seq<Vec<Option<u64>>>| #[trigger]
                answered_by(
                    f,
                    old(self)@,
                    self@,
                    self.state.access(),
                    self.state.shape(),
                    n,
                    system_counter,
                    global_system_counter,
                    items,
                    outs,
                );
            assert(answered_by(
                f,
                old(self)@,
                self@,
                old(self).state.access(),
                old(self).shape(),
                old(self)@.archetypes.len() as int,
                old(self).system_counter,
                old(self).global_system_counter,
                items,
                outs,
            ));
        }
    }

    /// Calls `f` on each item of the query, in the order of the items,
    /// and carries out the writes that the answers ask for: where a
    /// fetch term fetches for writing and the answer holds a value at
    /// the place of the term, the value is written into the component
    /// of the item's entity and the write is recorded.
    pub fn for_each_mut<F: Fn(&QueryItem) -> Vec<Option<u64>>>(&mut self, f: F)
        requires
            old(self).wf(),
            forall|item: &QueryItem| #[trigger] f.requires((item,)),
        ensures
            final(self).wf(),
            final(self).state == old(self).state,
            final(self).system_counter == old(self).system_counter,
            final(self).global_system_counter == old(self).global_system_counter,
            *final(final(self).world) == *final(old(self).world),
            exists|items: Seq<QueryItem>, outs: Seq<Vec<Option<u64>>>| #[trigger]
                answered_by(
                    f,
                    old(self)@,
                    final(self)@,
                    old(self).state.access(),
                    old(self).shape(),
                    old(self)@.archetypes.len() as int,
                    old(self).system_counter,
                    old(self).global_system_counter,
                    items,
                    outs,
                ),
    {
        let system_counter: u32 = self.system_counter;
        let global_system_counter: u32 = self.global_system_counter;
        let ghost n = self.state.generation() as int;
        self.state.for_each_mut_manual(self.world, f, system_counter, global_system_counter);
        proof {
            let (items, outs) = choose|items: Seq<QueryItem>,
                outs: Seq<Vec<Option<u64>>>| #[trigger]
                answered_by(
                    f,
                    old(self)@,
                    self@,
                    self.state.access(),
                    self.state.shape(),
                    n,
                    system_counter,
                    global_system_counter,
                    items,
                    outs,
                );
            assert(answered_by(
                f,
                old(self)@,
                self@,
                old(self).state.access(),
                old(self).shape(),
                old(self)@.archetypes.len() as int,
                old(self).system_counter,
                old(self).global_system_counter,
                items,
                outs,
            ));
        }
    }

    /// The item of one entity.
    pub fn get(&self, entity: Entity) -> (r: Result<QueryItem, QueryEntityError>)
        requires
            self.wf(),
        ensures
            !self@.contains(entity) ==> r == Err::<QueryItem, QueryEntityError>(
                QueryEntityError::NoSuchEntity,
            ),
            self@.contains(entity) && !self.shape().selects(
                self@,
                entity,
                self.system_counter,
                self.global_system_counter,
            ) ==> r == Err::<QueryItem, QueryEntityError>(QueryEntityError::NoMatch),
            self.shape().selects(self@, entity, self.system_counter, self.global_system_counter)
                ==> (r matches Ok(item)
                    && item@ == self.shape().item(entity, self@.entities[entity])),
    {
        proof {
            self.world.lemma_view_wf();
        }
        self.state.get_manual(
            &*self.world,
            entity,
            self.system_counter,
            self.global_system_counter,
        )
    }

    /// The value of the component of type `type_id` of an entity. There
    /// is none if the entity is not live, if it does not hold a component
    /// of the type, or if the query does not read that component.
    pub fn get_component(&self, entity: Entity, type_id: u64) -> (r: Result<
        u64,
        QueryComponentError,
    >)
        requires
            self.wf(),
        ensures
            r == component_result(self@, self.state.access(), entity, type_id, false),
    {
        let world = &*self.world;
        if !world.contains(entity) {
            return Err(QueryComponentError::NoSuchEntity);
        }
        let component_id = match world.components().get_id(type_id) {
            Some(id) => id,
            None => {
                return Err(QueryComponentError::MissingComponent);
            },
        };
        let archetype_component = match world.archetype_component_id(entity, component_id) {
            Some(id) => id,
            None => {
                return Err(QueryComponentError::MissingComponent);
            },
        };
        if self.state.archetype_component_access().has_read(archetype_component) {
            match world.get(entity, component_id) {
                Some(value) => Ok(value),
                None => Err(QueryComponentError::MissingComponent),
            }
        } else {
            Err(QueryComponentError::MissingReadAccess)
        }
    }

    /// Mutable access to the component of type `type_id` of an entity.
    /// There is none if the entity is not live, if it does not hold a
    /// component of the type, or if the query does not write that
    /// component.
    pub fn get_component_mut(&mut self, entity: Entity, type_id: u64) -> (r: Result<
        Mut<'_>,
        QueryComponentError,
    >)
        requires
            old(self).wf(),
        ensures
            final(self).wf(),
            final(self).state == old(self).state,
            final(self).system_counter == old(self).system_counter,
            final(self).global_system_counter == old(self).global_system_counter,
            *final(final(self).world) == *final(old(self).world),
            match component_result(old(self)@, old(self).state.access(), entity, type_id, true) {
                Ok(value) => r matches Ok(m) && m@.value == value
                    && m@ == old(self)@.entities[entity][id_of(old(self)@.registry,
                        type_id).unwrap()]
                    && m.system_counter == old(self).system_counter && m.global_system_counter
                    == old(self).global_system_counter && final(self)@ == old(self)@.with_cell(
                    entity,
                    id_of(old(self)@.registry, type_id).unwrap(),
                    Stored { value: *final(m.value), counters: *final(m.component_counters) },
                ),
                Err(error) => r matches Err(e) && e == error && final(self)@ == old(self)@,
            },
    {
        self.get_component_unchecked_mut(entity, type_id)
    }

    /// Mutable access to the component of type `type_id` of an entity,
    /// as [`DirectQuery::get_component_mut`] gives it. The query holds
    /// the store for itself, so no other access to the component can be
    /// alive while this one is.
    pub fn get_component_unchecked_mut(&mut self, entity: Entity, type_id: u64) -> (r: Result<
        Mut<'_>,
        QueryComponentError,
    >)
        requires
            old(self).wf(),
        ensures
            final(self).wf(),
            final(self).state == old(self).state,
            final(self).system_counter == old(self).system_counter,
            final(self).global_system_counter == old(self).global_system_counter,
            *final(final(self).world) == *final(old(self).world),
            match component_result(old(self)@, old(self).state.access(), entity, type_id, true) {
                Ok(value) => r matches Ok(m) && m@.value == value
                    && m@ == old(self)@.entities[entity][id_of(old(self)@.registry,
                        type_id).unwrap()]
                    && m.system_counter == old(self).system_counter && m.global_system_counter
                    == old(self).global_system_counter && final(self)@ == old(self)@.with_cell(
                    entity,
                    id_of(old(self)@.registry, type_id).unwrap(),
                    Stored { value: *final(m.value), counters: *final(m.component_counters) },
                ),
                Err(error) => r matches Err(e) && e == error && final(self)@ == old(self)@,
            },
    {
        if !self.world.contains(entity) {
            return Err(QueryComponentError::NoSuchEntity);
        }
        let component_id = match self.world.components().get_id(type_id) {
            Some(id) => id,
            None => {
                return Err(QueryComponentError::MissingComponent);
            },
        };
        let archetype_component = match self.world.archetype_component_id(entity, component_id) {
            Some(id) => id,
            None => {
                return Err(QueryComponentError::MissingComponent);
            },
        };
        if !self.state.archetype_component_access().has_write(archetype_component) {
            return Err(QueryComponentError::MissingWriteAccess);
        }
        proof {
            assert forall|cell: Stored| #[trigger]
                old(self)@.with_cell(entity, component_id, cell).extends(old(self)@) by {}
            assert forall|cell: Stored|
                old(self).state.valid_for(
                    #[trigger] old(self)@.with_cell(entity, component_id, cell),
                ) by {
                old(self).state.lemma_valid_extends(
                    old(self)@,
                    old(self)@.with_cell(entity, component_id, cell),
                );
            }
        }
        let system_counter: u32 = self.system_counter;
        let global_system_counter: u32 = self.global_system_counter;
        match self.world.get_mut_manual(
            entity,
            component_id,
            system_counter,
            global_system_counter,
        ) {
            Some(m) => Ok(m),
            None => Err(QueryComponentError::MissingComponent),
        }
    }
}

} // verus!
